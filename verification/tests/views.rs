//! Views that are copied, values without elements, and arguments that are stored.

use svod_schedule::bufferize::find_storage;
use svod_schedule::demote::demote_unsupported_floats;
use svod_schedule::early::{drop_dead_axes, is_dead_axis};
use svod_schedule::graph::{AddrSpace, AxisType, BinaryOp, ConstValue, DType, Graph, Op, ReduceOp, TernaryOp, UnaryOp};
use svod_schedule::indexing::IndexingContext;
use svod_schedule::limits::is_elementwise;
use svod_schedule::realize::realize_arguments;
use svod_schedule::shape::find_dims;
use svod_schedule::views::{
    broadcast_ranges, fold_empty, lower_marker, order_copy, push_through_after, reduce_identity,
};

fn float(graph: &mut Graph, value: f64) -> usize {
    graph.constant(ConstValue::Float(value.to_bits()), DType::Float32)
}

fn buffer(graph: &mut Graph, size: usize) -> usize {
    graph.leaf(Op::Buffer { slot: 0, space: AddrSpace::Global, size }, DType::Float32)
}

fn shape(graph: &mut Graph, sizes: &[i64]) -> usize {
    let list: Vec<usize> = sizes.iter().map(|&size| graph.index_const(size)).collect();
    graph.node(Op::Stack, DType::WeakInt, &list)
}

fn reshaped(graph: &mut Graph, value: usize, sizes: &[i64]) -> usize {
    let to = shape(graph, sizes);
    let dtype = graph.dtype(value);
    graph.binary(Op::Reshape, dtype, value, to)
}

fn expanded(graph: &mut Graph, value: usize, sizes: &[i64]) -> usize {
    let to = shape(graph, sizes);
    let dtype = graph.dtype(value);
    graph.binary(Op::Expand, dtype, value, to)
}

fn permuted(graph: &mut Graph, value: usize, axes: &[i64]) -> usize {
    let list: Vec<usize> = axes.iter().map(|&axis| graph.index_const(axis)).collect();
    let dtype = graph.dtype(value);
    graph.led(Op::Permute, dtype, value, &list)
}

fn copy(graph: &mut Graph, value: usize) -> usize {
    let dtype = graph.dtype(value);
    graph.unary(Op::Copy, dtype, value)
}

#[test]
fn a_copy_source_is_materialised_only_when_the_view_resizes_it() {
    let mut graph = Graph::new();
    let source = buffer(&mut graph, 4);
    let column = reshaped(&mut graph, source, &[4, 1]);
    let wide = expanded(&mut graph, column, &[4, 8]);
    let copied = copy(&mut graph, wide);
    let materialised = order_copy(&mut graph, copied).expect("resized copy source must be materialised");
    assert_eq!(graph.op(materialised), Op::Copy);
    let stored = graph.source(materialised, 0);
    assert_eq!(graph.op(stored), Op::Contiguous);
    assert_eq!(graph.source(stored, 0), wide);

    let square = reshaped(&mut graph, source, &[2, 2]);
    let flat = copy(&mut graph, square);
    assert_eq!(order_copy(&mut graph, flat), None);
}

#[test]
fn a_permuted_copy_source_is_materialised() {
    let mut graph = Graph::new();
    let source = buffer(&mut graph, 6);
    let matrix = reshaped(&mut graph, source, &[2, 3]);
    let turned = permuted(&mut graph, matrix, &[1, 0]);
    let copied = copy(&mut graph, turned);
    let out = order_copy(&mut graph, copied).expect("a permuted copy source must be materialised");
    assert_eq!(graph.op(out), Op::Copy);
    assert_eq!(graph.op(graph.source(out, 0)), Op::Contiguous);
    assert_eq!(order_copy(&mut graph, out), None, "once is enough");
    let plain = copy(&mut graph, source);
    assert_eq!(order_copy(&mut graph, plain), None);
}

#[test]
fn empty_reduction_folds_to_a_shaped_identity() {
    let mut graph = Graph::new();
    let nothing = buffer(&mut graph, 0);
    let source = reshaped(&mut graph, nothing, &[0, 3]);
    let reduce = graph.unary(
        Op::AxisReduce { with: ReduceOp::Add, count: 1 },
        DType::Float32,
        source,
    );
    let identity = fold_empty(&mut graph, reduce).expect("an empty reduction folds");
    assert_eq!(find_dims(&graph, identity), Some(vec![3]));
    assert_eq!(graph.op(identity), Op::Expand);
    assert_eq!(
        graph.op(graph.source(identity, 0)),
        Op::Const(ConstValue::Float(0.0f64.to_bits()))
    );
}

#[test]
fn a_zero_element_buffer_folds_to_a_constant() {
    let mut graph = Graph::new();
    let source = buffer(&mut graph, 0);
    let stored = graph.unary(Op::Contiguous, DType::Float32, source);
    let folded = fold_empty(&mut graph, stored).expect("a zero-element tensor must fold to 0");
    assert_eq!(
        graph.op(graph.source(folded, 0)),
        Op::Const(ConstValue::Float(0.0f64.to_bits()))
    );
    assert_eq!(fold_empty(&mut graph, folded), None);
    let four = buffer(&mut graph, 4);
    assert_eq!(fold_empty(&mut graph, four), None);
}

#[test]
fn a_reduction_of_nothing_gives_what_changes_nothing() {
    assert_eq!(reduce_identity(ReduceOp::Add, DType::Int32), ConstValue::Int(0));
    assert_eq!(reduce_identity(ReduceOp::Mul, DType::Float32), ConstValue::Float(1.0f64.to_bits()));
    assert_eq!(reduce_identity(ReduceOp::Mul, DType::UInt8), ConstValue::Int(1));
    assert_eq!(reduce_identity(ReduceOp::Max, DType::Int8), ConstValue::Int(-128));
    assert_eq!(reduce_identity(ReduceOp::Max, DType::UInt16), ConstValue::Int(0));
    assert_eq!(
        reduce_identity(ReduceOp::Max, DType::Float32),
        ConstValue::Float(f64::NEG_INFINITY.to_bits())
    );
    assert_eq!(reduce_identity(ReduceOp::Min, DType::UInt64), ConstValue::UInt(u64::MAX));
    assert_eq!(
        reduce_identity(ReduceOp::Min, DType::Float16),
        ConstValue::Float(f64::INFINITY.to_bits())
    );
}

#[test]
fn contiguous_is_stripped_and_plain_values_are_left_alone() {
    let mut graph = Graph::new();
    let tensor = float(&mut graph, 42.0);
    let wrapped = graph.unary(Op::Contiguous, DType::Float32, tensor);
    assert_eq!(lower_marker(&mut graph, wrapped), Some(tensor));
    let noop = graph.leaf(Op::Noop, DType::Void);
    let one = float(&mut graph, 1.0);
    for untouched in [noop, one] {
        assert_eq!(lower_marker(&mut graph, untouched), None);
    }
}

#[test]
fn a_non_void_noop_lowers_to_a_scalar_zero() {
    for (dtype, zero) in [
        (DType::Int32, ConstValue::Int(0)),
        (DType::Float32, ConstValue::Float(0.0f64.to_bits())),
        (DType::Bool, ConstValue::Bool(false)),
    ] {
        let mut graph = Graph::new();
        let noop = graph.leaf(Op::Noop, dtype);
        let result = lower_marker(&mut graph, noop).expect("a value hole");
        assert_eq!(graph.dtype(result), dtype);
        assert_eq!(graph.op(result), Op::Const(zero));
    }
}

#[test]
fn an_after_source_keeps_its_dead_axes() {
    let mut graph = Graph::new();
    let one = float(&mut graph, 1.0);
    let noop = graph.leaf(Op::Noop, DType::Void);
    let after = graph.after(one, &[noop]);
    let range = graph.range(1, AxisType::Loop, 0);
    let staged = graph.led(
        Op::Stage { space: AddrSpace::Global, removable: true },
        DType::Float32,
        after,
        &[range],
    );
    assert_eq!(drop_dead_axes(&graph, staged), None);
}

#[test]
fn only_ranges_can_be_dead_axes() {
    let mut graph = Graph::new();
    let constant = graph.index_const(0);
    assert!(!is_dead_axis(&graph, constant));
    let sum = graph.alu(BinaryOp::Add, constant, constant);
    assert!(!is_dead_axis(&graph, sum));
}

#[test]
fn alu_and_cast_nodes_are_elementwise() {
    let mut graph = Graph::new();
    let a = float(&mut graph, 1.0);
    let b = float(&mut graph, 2.0);
    let yes = graph.constant(ConstValue::Bool(true), DType::Bool);
    let sum = graph.alu(BinaryOp::Add, a, b);
    let chosen = graph.ternary(Op::Ternary(TernaryOp::Where), DType::Float32, yes, a, b);
    let root = graph.unary(Op::Unary(UnaryOp::Sqrt), DType::Float32, a);
    let cast = graph.cast(a, DType::Float64);
    let bits = graph.unary(Op::BitCast, DType::UInt32, a);
    let negative = graph.unary(Op::Unary(UnaryOp::Neg), DType::Float32, a);
    for id in [sum, chosen, root, cast, bits, negative] {
        assert!(is_elementwise(graph.op(id)));
    }
    assert!(!is_elementwise(graph.op(a)));
    let storage = buffer(&mut graph, 1);
    assert!(!is_elementwise(graph.op(storage)));
}

fn run_kernel(graph: &mut Graph, args: &[usize], ctx: &mut IndexingContext) {
    let param = graph.leaf(Op::Param { slot: 0, addrspace: None }, DType::Float32);
    let body = graph.sink(&[param]);
    let call = graph.led(Op::Call, DType::Void, body, args);
    realize_arguments(graph, call, ctx);
}

#[test]
fn custom_kernel_source_is_realized_and_pinned() {
    let mut graph = Graph::new();
    let one = float(&mut graph, 1.0);
    let two = float(&mut graph, 2.0);
    let arg = graph.alu(BinaryOp::Add, one, two);
    let mut ctx = IndexingContext::new();
    run_kernel(&mut graph, &[arg], &mut ctx);
    assert!(ctx.should_realize(arg), "a STAGE input that is not already a buffer must be realized");
    assert!(
        ctx.is_non_removable_realize(arg),
        "the kernel reads it through a PARAM slot, so it must stay a buffer"
    );
}

#[test]
fn custom_kernel_source_realizes_through_reshapes() {
    let mut graph = Graph::new();
    let one = float(&mut graph, 1.0);
    let two = float(&mut graph, 2.0);
    let compute = graph.alu(BinaryOp::Add, one, two);
    let view = reshaped(&mut graph, compute, &[1]);
    let mut ctx = IndexingContext::new();
    run_kernel(&mut graph, &[view], &mut ctx);
    assert!(ctx.should_realize(compute), "the reshaped-through source is the one realized");
    assert!(!ctx.should_realize(view), "the RESHAPE view itself needs no buffer");
}

#[test]
fn custom_kernel_buffer_source_is_left_alone() {
    let mut graph = Graph::new();
    let storage = buffer(&mut graph, 4);
    let mut ctx = IndexingContext::new();
    run_kernel(&mut graph, &[storage], &mut ctx);
    assert!(!ctx.should_realize(storage), "an ALWAYS_CONTIGUOUS CALL input is already a buffer");
    let one = float(&mut graph, 1.0);
    realize_arguments(&graph, one, &mut ctx);
    assert!(!ctx.should_realize(one), "only a call has arguments");
}

#[test]
fn index_pushes_through_an_after_without_losing_its_dep() {
    let mut graph = Graph::new();
    let storage = buffer(&mut graph, 8);
    let r = graph.range(8, AxisType::Loop, 0);
    let dep = graph.leaf(Op::Noop, DType::Void);
    let address = graph.binary(Op::Index, DType::Float32, storage, r);
    let indexed = graph.after(address, &[dep]);
    let result = push_through_after(&mut graph, indexed).expect("an address behind a wait");
    assert_eq!(graph.op(result), Op::Index);
    let behind = graph.source(result, 0);
    assert_eq!(graph.op(behind), Op::After);
    assert_eq!((graph.source(behind, 0), graph.source(behind, 1)), (storage, dep));
    assert_eq!(graph.source_count(behind), 2);
    assert_eq!(graph.source(result, 1), r);
}

#[test]
fn a_view_comes_out_of_a_wait() {
    let mut graph = Graph::new();
    let storage = buffer(&mut graph, 20);
    let one = float(&mut graph, 1.0);
    let stored = graph.binary(Op::Store, DType::Void, storage, one);
    let view = reshaped(&mut graph, storage, &[4, 5]);
    let after = graph.after(view, &[stored]);
    let result = push_through_after(&mut graph, after).expect("a view behind a wait");
    assert_eq!(graph.op(result), Op::Reshape);
    assert_eq!(graph.op(graph.source(result, 0)), Op::After);
    assert_eq!(find_storage(&graph, result), storage);
    let plain = graph.after(storage, &[stored]);
    assert_eq!(push_through_after(&mut graph, plain), None);
}

#[test]
fn broadcast_ranges_zeroes_only_the_expanded_axes() {
    let mut graph = Graph::new();
    let consumer_range = graph.global_range(4, 0);
    let mapped = broadcast_ranges(&mut graph, &vec![4], &vec![], &vec![consumer_range]);
    assert_eq!(mapped, [consumer_range]);

    let one = float(&mut graph, 1.0);
    let source = reshaped(&mut graph, one, &[1]);
    let wide = expanded(&mut graph, source, &[4]);
    let consumer = graph.alu(BinaryOp::Add, wide, wide);
    let (to, from) = (find_dims(&graph, consumer).unwrap(), find_dims(&graph, source).unwrap());
    let mapped = broadcast_ranges(&mut graph, &to, &from, &vec![consumer_range]);
    assert_eq!(mapped.len(), 1);
    assert_eq!(graph.op(mapped[0]), Op::Const(ConstValue::Int(0)));
    let kept = broadcast_ranges(&mut graph, &vec![4], &vec![4], &vec![consumer_range]);
    assert_eq!(kept, [consumer_range]);
}

#[test]
fn supported_renderers_are_untouched() {
    let mut graph = Graph::new();
    let param = graph.leaf(Op::Param { slot: 1, addrspace: None }, DType::Float32);
    let wide = graph.cast(param, DType::Float64);
    let half = graph.constant(ConstValue::Float(0.5f64.to_bits()), DType::Float64);
    let scaled = graph.alu(BinaryOp::Mul, wide, half);
    let back = graph.cast(scaled, DType::Float32);
    let sink = graph.sink(&[back]);
    assert_eq!(demote_unsupported_floats(&mut graph, sink, true), sink);
    let demoted = demote_unsupported_floats(&mut graph, sink, false);
    assert!(graph.toposort(demoted).into_iter().all(|id| graph.dtype(id) != DType::Float64));
}
